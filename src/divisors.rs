//! The divisor engine: divisors of a positive integer, and its unordered
//! factorizations into three positive factors `d1 >= d2 >= d3`, where `d1` is
//! drawn from the large divisors and `d2` is the middle factor.
//!
//! Divisors are built from the prime factorization, one prime power after
//! the other. Every value listed is checked exactly before it is handed out;
//! no list holds a value twice, and the divisors and the large divisors are
//! listed in full.
use vstd::prelude::*;
use num::integer::Roots;
use num_prime::nt_funcs::factorize64;
use vstd::arithmetic::power::{lemma_pow_increases, lemma_pow_positive, pow};
use vstd::arithmetic::div_mod::lemma_mod_multiples_basic;
use crate::primes::{
    lemma_power_divides, lemma_power_product_mul,
    lemma_cancel, lemma_divisor_exponents, lemma_extend_exponents, lemma_power_multiple,
    lemma_prime_not_divides_product, lemma_prime_power_coprime, lemma_push_keeps,
    lemma_valuation_distinct,
};

verus! {

/// Each factor of the list is at least 2, as a prime is.
pub open spec fn valid_factors(factors: Seq<(u64, usize)>) -> bool {
    forall|k: int| 0 <= k < factors.len() ==> #[trigger] factors[k].0 >= 2
}

/// A prime: at least 2, and divisible by no integer in `2..p`.
pub open spec fn is_prime(p: int) -> bool {
    p >= 2 && forall|d: int| 2 <= d < p ==> #[trigger] (p % d) != 0
}

/// The product of `p^e` over the pairs `(p, e)` of the list.
pub open spec fn factor_product(factors: Seq<(u64, usize)>) -> int {
    prefix_product(factors, factors.len() as int)
}

/// The product of `p^e` over the first `m` pairs `(p, e)` of the list.
pub open spec fn prefix_product(factors: Seq<(u64, usize)>, m: int) -> int
    decreases m,
{
    if m <= 0 {
        1
    } else {
        prefix_product(factors, m - 1) * pow(factors[m - 1].0 as int, factors[m - 1].1 as nat)
    }
}

/// The product of `p^k` over the first `m` pairs `(p, e)` of the list, with
/// `k` the matching entry of `exps`.
pub open spec fn power_product(factors: Seq<(u64, usize)>, exps: Seq<nat>, m: int) -> int
    decreases m,
{
    if m <= 0 {
        1
    } else {
        power_product(factors, exps, m - 1) * pow(factors[m - 1].0 as int, exps[m - 1])
    }
}

/// `exps` gives each of the first `m` pairs `(p, e)` an exponent at most `e`.
pub open spec fn exponents_within(factors: Seq<(u64, usize)>, exps: Seq<nat>, m: int) -> bool {
    &&& 0 <= m <= factors.len()
    &&& exps.len() == m
    &&& forall|i: int| 0 <= i < m ==> #[trigger] exps[i] <= factors[i].1
}

/// `d` is a positive divisor of `v`.
pub open spec fn is_divisor(d: int, v: int) -> bool {
    d >= 1 && v % d == 0
}

/// `d` divides `value` and is large enough to be the largest of three factors.
pub open spec fn is_first_divider(value: int, d: int) -> bool {
    is_divisor(d, value) && d * d * d >= value
}

/// With `d1` taken, `d2` is the middle factor: it divides `value / d1`, does
/// not exceed `d1`, and is at least the third factor `value / d1 / d2`.
pub open spec fn is_second_divider(value: int, d1: int, d2: int) -> bool {
    is_divisor(d2, value / d1) && d2 * d2 >= value / d1 && d2 <= d1
}

/// Every triple that the divisor engine lists, `d1` from `find_first_dividers`,
/// `d2` from `find_second_dividers` and `d3 = value / d1 / d2`, is ordered
/// `d1 >= d2 >= d3 >= 1` and multiplies to `value`.
pub proof fn lemma_listed_triple(value: int, d1: int, d2: int)
    requires
        value >= 1,
        is_first_divider(value, d1),
        is_second_divider(value, d1, d2),
    ensures
        d1 >= d2 >= value / d1 / d2 >= 1,
        d1 * d2 * (value / d1 / d2) == value,
{
    let q = value / d1;
    let d3 = q / d2;
    assert(d1 * q == value) by (nonlinear_arith)
        requires
            d1 >= 1,
            value % d1 == 0,
            q == value / d1,
    ;
    assert(q >= 1) by (nonlinear_arith)
        requires
            d1 * q == value,
            value >= 1,
            d1 >= 1,
    ;
    assert(d2 * d3 == q) by (nonlinear_arith)
        requires
            d2 >= 1,
            q % d2 == 0,
            d3 == q / d2,
    ;
    assert(d3 <= d2 && d3 >= 1) by (nonlinear_arith)
        requires
            d2 * d3 == q,
            d2 * d2 >= q,
            d2 >= 1,
            q >= 1,
    ;
    assert(d1 * d2 * d3 == value) by (nonlinear_arith)
        requires
            d1 * q == value,
            d2 * d3 == q,
    ;
}

/// Relies on `num_prime::nt_funcs::factorize64`: the prime factorization of
/// `target`, as `(prime, exponent)` pairs in increasing order of primes.
#[verifier::external_body]
pub(crate) fn factorize(target: u64) -> (r: Vec<(u64, usize)>)
    requires
        target >= 1,
    ensures
        prime_factors(r@),
        forall|k: int| 0 <= k < r@.len() ==> #[trigger] r@[k].1 >= 1,
        factor_product(r@) == target,
{
    factorize64(target).into_iter().collect()
}

/// Relies on `num::integer::Roots::cbrt` on `u64`: the truncated cube root.
#[verifier::external_body]
fn cube_root(x: u64) -> (r: u64)
    ensures
        r * r * r <= x < (r + 1) * (r + 1) * (r + 1),
{
    x.cbrt()
}

/// Relies on `num::integer::Roots::sqrt` on `u64`: the truncated square root.
#[verifier::external_body]
fn square_root(x: u64) -> (r: u64)
    ensures
        r * r <= x < (r + 1) * (r + 1),
{
    x.sqrt()
}

/// The factors are primes, in strictly increasing order.
pub open spec fn prime_factors(factors: Seq<(u64, usize)>) -> bool {
    &&& forall|k: int| 0 <= k < factors.len() ==> is_prime(#[trigger] factors[k].0 as int)
    &&& forall|a: int, b: int|
        0 <= a < b < factors.len() ==> #[trigger] factors[a].0 < #[trigger] factors[b].0
}

/// No prime of `factors` from index `from` on divides `x`.
pub open spec fn free_of_later(x: int, factors: Seq<(u64, usize)>, from: int) -> bool {
    forall|g: int| from <= g < factors.len() ==> x % (#[trigger] factors[g].0 as int) != 0
}

proof fn lemma_prime_factors_valid(factors: Seq<(u64, usize)>)
    requires
        prime_factors(factors),
    ensures
        valid_factors(factors),
{
    assert forall|k: int| 0 <= k < factors.len() implies #[trigger] factors[k].0 >= 2 by {
        assert(is_prime(factors[k].0 as int));
    }
}

/// The products of powers `p^k`, `k <= e`, over the pairs `(p, e)` of
/// `factors`, that do not exceed `max`, built one factor after the other.
fn divisor_products(factors: &Vec<(u64, usize)>, max: u64) -> (r: Vec<u64>)
    requires
        prime_factors(factors@),
        max >= 1,
    ensures
        r@.len() >= 1,
        r@[0] == 1,
        forall|k: int| 0 <= k < r@.len() ==> 1 <= #[trigger] r@[k] <= max,
        r@.no_duplicates(),
        forall|exps: Seq<nat>|
            exponents_within(factors@, exps, factors@.len() as int) && #[trigger] power_product(
                factors@,
                exps,
                factors@.len() as int,
            ) <= max ==> r@.contains(power_product(factors@, exps, factors@.len() as int) as u64),
{
    proof {
        lemma_prime_factors_valid(factors@);
    }
    let mut vec: Vec<u64> = vec![1];
    proof {
        assert forall|g: int| 0 <= g < factors@.len() implies 1int % (#[trigger] factors@[g].0 as int) != 0 by {
            let q = factors@[g].0 as int;
            assert(is_prime(q));
            assert(1int % q == 1) by (nonlinear_arith)
                requires
                    q >= 2,
            ;
        }
        assert(free_of_later(vec@[0] as int, factors@, 0));
        assert forall|exps: Seq<nat>|
            exponents_within(factors@, exps, 0) && #[trigger] power_product(factors@, exps, 0) <= max implies vec@.contains(
            power_product(factors@, exps, 0) as u64,
        ) by {
            assert(vec@[0] == 1);
        }
    }
    let mut f: usize = 0;
    while f < factors.len()
        invariant
            prime_factors(factors@),
            valid_factors(factors@),
            f <= factors@.len(),
            max >= 1,
            vec@.len() >= 1,
            vec@[0] == 1,
            forall|k: int| 0 <= k < vec@.len() ==> 1 <= #[trigger] vec@[k] <= max,
            vec@.no_duplicates(),
            forall|t: int| 0 <= t < vec@.len() ==> free_of_later(#[trigger] vec@[t] as int, factors@, f as int),
            forall|exps: Seq<nat>|
                exponents_within(factors@, exps, f as int) && #[trigger] power_product(factors@, exps, f as int)
                    <= max ==> vec@.contains(power_product(factors@, exps, f as int) as u64),
        decreases factors@.len() - f,
    {
        let (factor, count) = factors[f];
        let ghost p = factor as int;
        assert(is_prime(p)) by {
            assert(is_prime(factors@[f as int].0 as int));
        }
        let vec_size = vec.len();
        let ghost old_vec = vec@;
        let ghost mut src: Seq<int> = Seq::empty();
        let ghost mut pw: Seq<nat> = Seq::empty();
        let mut div: u64 = 1;
        proof {
            assert(pow(p, 0) == 1) by {
                reveal(pow);
            }
        }
        proof {
            assert forall|exps: Seq<nat>|
                exponents_within(factors@, exps, f + 1) && exps[f as int] <= 0 && #[trigger] power_product(
                    factors@,
                    exps,
                    f + 1,
                ) <= max implies vec@.contains(power_product(factors@, exps, f + 1) as u64) by {
                lemma_extend_exponents(factors@, exps, f as int);
                assert(pow(p, 0) == 1) by {
                    reveal(pow);
                }
                let sub = exps.take(f as int);
                assert(power_product(factors@, sub, f as int) == power_product(factors@, exps, f as int));
            }
            assert(vec@.take(vec_size as int) =~= old_vec);
        }
        let mut k: usize = 0;
        let mut in_range = true;
        while k < count && in_range
            invariant
                prime_factors(factors@),
                f < factors@.len(),
                p == factors@[f as int].0,
                p == factor,
                is_prime(p),
                max >= 1,
                in_range ==> div == pow(p, k as nat),
                1 <= vec_size <= vec@.len(),
                vec@[0] == 1,
                forall|k: int| 0 <= k < vec@.len() ==> 1 <= #[trigger] vec@[k] <= max,
                vec@.no_duplicates(),
                forall|t: int| 0 <= t < vec_size ==> free_of_later(#[trigger] vec@[t] as int, factors@, f as int),
                forall|t: int|
                    vec_size <= t < vec@.len() ==> free_of_later(#[trigger] vec@[t] as int, factors@, f + 1),
                src.len() == vec@.len() - vec_size,
                pw.len() == src.len(),
                forall|u: int|
                    0 <= u < src.len() ==> 0 <= #[trigger] src[u] < vec_size && 1 <= pw[u] <= k && vec@[vec_size
                        + u] == vec@[src[u]] * pow(p, pw[u]),
                old_vec.len() == vec_size,
                vec@.take(vec_size as int) == old_vec,
                count == factors@[f as int].1,
                forall|exps: Seq<nat>|
                    exponents_within(factors@, exps, f as int) && #[trigger] power_product(factors@, exps, f as int)
                        <= max ==> old_vec.contains(power_product(factors@, exps, f as int) as u64),
                forall|exps: Seq<nat>|
                    exponents_within(factors@, exps, f + 1) && exps[f as int] <= k && #[trigger] power_product(
                        factors@,
                        exps,
                        f + 1,
                    ) <= max ==> vec@.contains(power_product(factors@, exps, f + 1) as u64),
                !in_range ==> pow(p, k as nat) > u64::MAX,
            decreases count - k,
        {
            match div.checked_mul(factor) {
                Some(d) => {
                    proof {
                        assert(pow(p, (k + 1) as nat) == p * pow(p, k as nat)) by {
                            reveal(pow);
                        }
                        assert(d == pow(p, (k + 1) as nat)) by (nonlinear_arith)
                            requires
                                d == div * factor,
                                div == pow(p, k as nat),
                                pow(p, (k + 1) as nat) == p * pow(p, k as nat),
                                p == factor,
                        ;
                    }
                    div = d;
                    let ghost j: nat = (k + 1) as nat;
                    proof {
                        lemma_pow_positive(p, j);
                        assert forall|u: int| 0 <= u < src.len() implies #[trigger] pw[u] < j by {
                            assert(0 <= src[u] < vec_size);
                        }
                    }
                    let ghost done = src.len();
                    let mut i: usize = 0;
                    while i < vec_size
                        invariant
                            prime_factors(factors@),
                            f < factors@.len(),
                            p == factors@[f as int].0,
                            is_prime(p),
                            max >= 1,
                            j == k + 1,
                            div == pow(p, j),
                            div >= 1,
                            1 <= vec_size <= vec@.len(),
                            vec@[0] == 1,
                            forall|k: int| 0 <= k < vec@.len() ==> 1 <= #[trigger] vec@[k] <= max,
                            vec@.no_duplicates(),
                            forall|t: int|
                                0 <= t < vec_size ==> free_of_later(#[trigger] vec@[t] as int, factors@, f as int),
                            forall|t: int|
                                vec_size <= t < vec@.len() ==> free_of_later(
                                    #[trigger] vec@[t] as int,
                                    factors@,
                                    f + 1,
                                ),
                            src.len() == vec@.len() - vec_size,
                            pw.len() == src.len(),
                            0 <= done <= src.len(),
                            forall|u: int|
                                0 <= u < src.len() ==> 0 <= #[trigger] src[u] < vec_size && 1 <= pw[u] <= j
                                    && vec@[vec_size + u] == vec@[src[u]] * pow(p, pw[u]),
                            forall|u: int| 0 <= u < done ==> #[trigger] pw[u] < j,
                            forall|u: int| done <= u < src.len() ==> #[trigger] pw[u] == j && src[u] < i,
                            i <= vec_size,
                            old_vec.len() == vec_size,
                            vec@.take(vec_size as int) == old_vec,
                            forall|exps: Seq<nat>|
                                exponents_within(factors@, exps, f as int) && #[trigger] power_product(
                                    factors@,
                                    exps,
                                    f as int,
                                ) <= max ==> old_vec.contains(power_product(factors@, exps, f as int) as u64),
                            forall|exps: Seq<nat>|
                                exponents_within(factors@, exps, f + 1) && exps[f as int] <= k
                                    && #[trigger] power_product(factors@, exps, f + 1) <= max ==> vec@.contains(
                                    power_product(factors@, exps, f + 1) as u64,
                                ),
                            forall|idx: int|
                                0 <= idx < i ==> (#[trigger] old_vec[idx] * pow(p, j) <= max ==> vec@.contains(
                                    (old_vec[idx] * pow(p, j)) as u64,
                                )),
                        decreases vec_size - i,
                    {
                        match vec[i].checked_mul(div) {
                            Some(v) => {
                                assert(v >= 1) by (nonlinear_arith)
                                    requires
                                        v == vec@[i as int] * div,
                                        vec@[i as int] >= 1,
                                        div >= 1,
                                ;
                                if v <= max {
                                    proof {
                                        let y = vec@[i as int] as int;
                                        lemma_power_multiple(y, p, j);
                                        assert(free_of_later(y, factors@, f as int));
                                        assert forall|t: int| 0 <= t < vec@.len() implies #[trigger] vec@[t] != v by {
                                            if t < vec_size {
                                                assert(free_of_later(vec@[t] as int, factors@, f as int));
                                                assert(vec@[t] as int % p != 0);
                                            } else {
                                                let u = t - vec_size;
                                                let y2 = vec@[src[u]] as int;
                                                assert(free_of_later(y2, factors@, f as int));
                                                assert(y2 % p != 0);
                                                if pw[u] < j {
                                                    lemma_valuation_distinct(p, y2, pw[u], y, j);
                                                } else {
                                                    assert(src[u] != i);
                                                    lemma_pow_positive(p, j);
                                                    lemma_cancel(y2, y, pow(p, j));
                                                }
                                            }
                                        }
                                        assert forall|g: int| f + 1 <= g < factors@.len() implies (v as int) % (
                                        #[trigger] factors@[g].0 as int) != 0 by {
                                            let q = factors@[g].0 as int;
                                            assert(is_prime(q));
                                            assert(p < q);
                                            lemma_prime_power_coprime(q, p, j);
                                            lemma_prime_not_divides_product(q, y, pow(p, j));
                                        }
                                    }
                                    let ghost before = vec@;
                                    vec.push(v);
                                    proof {
                                        src = src.push(i as int);
                                        pw = pw.push(j);
                                        assert(vec@.no_duplicates());
                                        lemma_push_keeps(before, v);
                                        assert(vec@.take(vec_size as int) =~= old_vec) by {
                                            assert(before.take(vec_size as int) == old_vec);
                                        }
                                        assert(old_vec[i as int] == before[i as int]);
                                    }
                                }
                            },
                            None => {},
                        }
                        proof {
                            assert(old_vec[i as int] == vec@.take(vec_size as int)[i as int]);
                        }
                        i = i + 1;
                    }
                    proof {
                        assert forall|exps: Seq<nat>|
                            exponents_within(factors@, exps, f + 1) && exps[f as int] <= j
                                && #[trigger] power_product(factors@, exps, f + 1) <= max implies vec@.contains(
                            power_product(factors@, exps, f + 1) as u64,
                        ) by {
                            if exps[f as int] == j {
                                lemma_extend_exponents(factors@, exps, f as int);
                                let sub = exps.take(f as int);
                                let y = power_product(factors@, exps, f as int);
                                let pj = pow(p, j);
                                assert(y * pj >= y) by (nonlinear_arith)
                                    requires
                                        y >= 1,
                                        pj >= 1,
                                ;
                                assert(power_product(factors@, sub, f as int) == y);
                                assert(old_vec.contains(y as u64));
                                let idx = choose|idx: int| 0 <= idx < old_vec.len() && old_vec[idx] == y as u64;
                                assert(old_vec[idx] * pow(p, j) <= max);
                            }
                        }
                    }
                },
                None => {
                    proof {
                        assert(pow(p, (k + 1) as nat) == p * pow(p, k as nat)) by {
                            reveal(pow);
                        }
                        assert(pow(p, (k + 1) as nat) > u64::MAX) by (nonlinear_arith)
                            requires
                                div * factor > u64::MAX,
                                div == pow(p, k as nat),
                                pow(p, (k + 1) as nat) == p * pow(p, k as nat),
                                p == factor,
                        ;
                        assert forall|exps: Seq<nat>|
                            exponents_within(factors@, exps, f + 1) && exps[f as int] <= k + 1
                                && #[trigger] power_product(factors@, exps, f + 1) <= max implies vec@.contains(
                            power_product(factors@, exps, f + 1) as u64,
                        ) by {
                            if exps[f as int] == k + 1 {
                                lemma_extend_exponents(factors@, exps, f as int);
                            }
                        }
                    }
                    in_range = false;
                },
            }
            k = k + 1;
        }
        proof {
            assert forall|exps: Seq<nat>|
                exponents_within(factors@, exps, f + 1) && #[trigger] power_product(factors@, exps, f + 1)
                    <= max implies vec@.contains(power_product(factors@, exps, f + 1) as u64) by {
                if exps[f as int] > k {
                    lemma_extend_exponents(factors@, exps, f as int);
                    lemma_pow_increases(p as nat, k as nat, exps[f as int]);
                }
            }
        }
        f = f + 1;
    }
    proof {
        assert forall|exps: Seq<nat>|
            exponents_within(factors@, exps, factors@.len() as int) && #[trigger] power_product(
                factors@,
                exps,
                factors@.len() as int,
            ) <= max implies vec@.contains(power_product(factors@, exps, factors@.len() as int) as u64) by {}
    }
    vec
}

/// The divisors of a positive `value`.
pub fn find_dividers(value: u64) -> (r: Vec<u64>)
    requires
        value >= 1,
    ensures
        forall|k: int| 0 <= k < r@.len() ==> is_divisor(#[trigger] r@[k] as int, value as int),
        r@.contains(value),
        r@.no_duplicates(),
        forall|d: u64| #![trigger r@.contains(d)] is_divisor(d as int, value as int) ==> r@.contains(d),
{
    let factors = factorize(value);
    let products = divisor_products(&factors, value);
    let r = complements(value, &products, value);
    assert(r@[0] == value);
    proof {
        assert forall|d: u64| #![trigger r@.contains(d)] is_divisor(d as int, value as int) implies r@.contains(d) by {
            lemma_listed_complement(value, &factors@, &products@, value, d);
            let k = choose|k: int|
                0 <= k < products@.len() && products@[k] == value / d && value / products@[k] == d
                    && products@[k] <= value && value % products@[k] == 0;
            assert(products@[k] <= value && value % products@[k] == 0);
        }
    }
    r
}

/// A divisor `d` of `value` with `value / d <= max` has its complement among
/// the products that `divisor_products` builds from the factorization of
/// `value` with that bound.
proof fn lemma_listed_complement(
    value: u64,
    factors: &Seq<(u64, usize)>,
    products: &Seq<u64>,
    max: u64,
    d: u64,
)
    requires
        value >= 1,
        prime_factors(*factors),
        factor_product(*factors) == value,
        is_divisor(d as int, value as int),
        (value / d) as int <= max,
        forall|exps: Seq<nat>|
            exponents_within(*factors, exps, factors.len() as int) && #[trigger] power_product(
                *factors,
                exps,
                factors.len() as int,
            ) <= max ==> products.contains(power_product(*factors, exps, factors.len() as int) as u64),
    ensures
        exists|k: int|
            0 <= k < products.len() && products[k] == value / d && value / products[k] == d && products[k]
                <= max && value % products[k] == 0,
{
    let x = (value / d) as int;
    assert(x * d == value && x >= 1) by (nonlinear_arith)
        requires
            d >= 1,
            value % d == 0,
            x == value / d,
            value >= 1,
    ;
    lemma_mod_multiples_basic(d as int, x);
    assert(prefix_product(*factors, factors.len() as int) % x == 0) by (nonlinear_arith)
        requires
            prefix_product(*factors, factors.len() as int) == value,
            x * d == value,
            (d * x) % x == 0,
    ;
    let exps = lemma_divisor_exponents(*factors, factors.len() as int, x);
    assert(products.contains(x as u64));
    let k = choose|k: int| 0 <= k < products.len() && products[k] == x as u64;
    assert(value as int / x == d as int) by (nonlinear_arith)
        requires
            x * d == value,
            x >= 1,
    ;
    assert(value as int % x == 0) by (nonlinear_arith)
        requires
            x * d == value,
            x >= 1,
    ;
    assert(products[k] == x);
}

/// `value / x` for each `x` of `candidates` that divides `value` and does not
/// exceed `max`.
fn complements(value: u64, candidates: &Vec<u64>, max: u64) -> (r: Vec<u64>)
    requires
        value >= 1,
        candidates@.len() >= 1,
        candidates@[0] == 1,
        max >= 1,
        forall|k: int| 0 <= k < candidates@.len() ==> 1 <= #[trigger] candidates@[k],
        candidates@.no_duplicates(),
    ensures
        r@.len() >= 1,
        r@[0] == value,
        r@.no_duplicates(),
        forall|k: int|
            0 <= k < r@.len() ==> is_divisor(#[trigger] r@[k] as int, value as int) && r@[k] * max
                >= value,
        forall|k: int|
            0 <= k < candidates@.len() && #[trigger] candidates@[k] <= max && value % candidates@[k] == 0
                ==> r@.contains(value / candidates@[k]),
{
    let mut out: Vec<u64> = Vec::new();
    let ghost mut src: Seq<int> = Seq::empty();
    let mut i: usize = 0;
    while i < candidates.len()
        invariant
            value >= 1,
            max >= 1,
            candidates@.no_duplicates(),
            out@.no_duplicates(),
            src.len() == out@.len(),
            forall|t: int|
                0 <= t < src.len() ==> 0 <= #[trigger] src[t] < i && out@[t] * candidates@[src[t]] == value,
            forall|k: int|
                0 <= k < i && #[trigger] candidates@[k] <= max && value % candidates@[k] == 0 ==> out@.contains(
                    value / candidates@[k],
                ),
            i <= candidates@.len(),
            candidates@[0] == 1,
            forall|k: int| 0 <= k < candidates@.len() ==> 1 <= #[trigger] candidates@[k],
            i >= 1 ==> out@.len() >= 1 && out@[0] == value,
            i == 0 ==> out@.len() == 0,
            forall|k: int|
                0 <= k < out@.len() ==> is_divisor(#[trigger] out@[k] as int, value as int) && out@[k]
                    * max >= value,
        decreases candidates@.len() - i,
    {
        let x = candidates[i];
        if i == 0 {
            assert(value % 1 == 0 && value / 1 == value) by (nonlinear_arith);
        }
        if x <= max && value % x == 0 {
            let d = value / x;
            assert(x * d == value && d * x == value && d >= 1 && value % d == 0 && d * max >= value) by (nonlinear_arith)
                requires
                    x >= 1,
                    x <= max,
                    value >= 1,
                    value % x == 0,
                    d == value / x,
            ;
            proof {
                assert forall|t: int| 0 <= t < out@.len() implies #[trigger] out@[t] != d by {
                    let c = candidates@[src[t]];
                    if out@[t] == d {
                        assert(c == x) by (nonlinear_arith)
                            requires
                                d * c == value,
                                x * d == value,
                                d >= 1,
                        ;
                        assert(src[t] != i);
                    }
                }
            }
            let ghost before = out@;
            out.push(d);
            proof {
                src = src.push(i as int);
                lemma_push_keeps(before, d);
            }
        }
        i = i + 1;
    }
    out
}

/// The smallest `c` with `c * c * c >= value`, for a positive `value`.
fn ceil_cube_root(value: u64) -> (c: u64)
    requires
        value >= 1,
    ensures
        1 <= c <= value,
        c * c * c >= value,
        (c - 1) * (c - 1) * (c - 1) < value,
{
    let root = cube_root(value);
    assert(root <= value && root * root <= value) by (nonlinear_arith)
        requires
            root * root * root <= value,
            value >= 1,
    ;
    let cube = root * root * root;
    if cube == value {
        assert(root >= 1) by (nonlinear_arith)
            requires
                root * root * root == value,
                value >= 1,
        ;
        assert((root - 1) * (root - 1) * (root - 1) < root * root * root) by (nonlinear_arith)
            requires
                root >= 1,
        ;
        root
    } else {
        assert(root + 1 <= value) by (nonlinear_arith)
            requires
                root * root * root < value,
        ;
        root + 1
    }
}

/// The divisors `d` of a positive `value` with `d * d * d >= value`: those
/// that can be the largest of three factors whose product is `value`.
/// `factors` is the prime factorization of `value`.
pub fn find_first_dividers(value: u64, factors: &Vec<(u64, usize)>) -> (r: Vec<u64>)
    requires
        value >= 1,
        prime_factors(factors@),
    ensures
        r@.contains(value),
        r@.no_duplicates(),
        forall|k: int| 0 <= k < r@.len() ==> is_first_divider(value as int, #[trigger] r@[k] as int),
        factor_product(factors@) == value ==> forall|d: u64|
            #![trigger r@.contains(d)]
            is_first_divider(value as int, d as int) ==> r@.contains(d),
{
    let c = ceil_cube_root(value);
    let max = value / c;
    assert(max >= 1 && max * c <= value) by (nonlinear_arith)
        requires
            1 <= c <= value,
            max == value / c,
    ;
    let products = divisor_products(factors, max);
    let r = complements(value, &products, max);
    assert forall|k: int| 0 <= k < r@.len() implies is_first_divider(value as int, #[trigger] r@[k] as int) by {
        let d = r@[k] as int;
        assert(d * d * d >= value) by (nonlinear_arith)
            requires
                d * max >= value,
                max * c <= value,
                max >= 1,
                c >= 1,
                c * c * c >= value,
        ;
    }
    assert(r@[0] == value);
    proof {
        if factor_product(factors@) == value {
            assert forall|d: u64| #![trigger r@.contains(d)] is_first_divider(value as int, d as int) implies r@.contains(d) by {
                let di = d as int;
                assert(di >= c) by (nonlinear_arith)
                    requires
                        di * di * di >= value,
                        (c - 1) * (c - 1) * (c - 1) < value,
                        di >= 1,
                        c >= 1,
                ;
                let x = value / d;
                assert(x * d == value) by (nonlinear_arith)
                    requires
                        d >= 1,
                        value % d == 0,
                        x == value / d,
                ;
                assert(x * c <= value) by (nonlinear_arith)
                    requires
                        x * d == value,
                        di == d,
                        di >= c,
                        x >= 0,
                ;
                assert(x <= max) by (nonlinear_arith)
                    requires
                        x * c <= value,
                        c >= 1,
                        max == value / c,
                ;
                lemma_listed_complement(value, &factors@, &products@, max, d);
                let k = choose|k: int|
                    0 <= k < products@.len() && products@[k] == value / d && value / products@[k] == d
                        && products@[k] <= max && value % products@[k] == 0;
                assert(products@[k] <= max && value % products@[k] == 0);
            }
        }
    }
    r
}

/// Number of `k` in `1..=e` with `p^k` dividing `d`.
pub open spec fn dividing_powers(d: int, p: int, e: nat) -> nat
    decreases e,
{
    if e == 0 {
        0
    } else {
        dividing_powers(d, p, (e - 1) as nat) + if d % pow(p, e) == 0 {
            1nat
        } else {
            0nat
        }
    }
}

proof fn lemma_dividing_powers_bound(d: int, p: int, e: nat)
    ensures
        dividing_powers(d, p, e) <= e,
    decreases e,
{
    if e > 0 {
        lemma_dividing_powers_bound(d, p, (e - 1) as nat);
    }
}

/// Powers above `d` do not divide it.
proof fn lemma_dividing_powers_stop(d: int, p: int, k: nat, e: nat)
    requires
        1 <= d <= u64::MAX,
        p >= 2,
        k <= e,
        pow(p, k + 1) > u64::MAX,
    ensures
        dividing_powers(d, p, e) == dividing_powers(d, p, k),
    decreases e - k,
{
    if e > k {
        lemma_dividing_powers_stop(d, p, k, (e - 1) as nat);
        lemma_pow_increases(p as nat, k + 1, e);
        let pe = pow(p, e);
        assert(d % pe == d) by (nonlinear_arith)
            requires
                1 <= d < pe,
        ;
    }
}

proof fn lemma_dividing_powers_exact(d: int, p: int, e: nat, a: nat)
    requires
        forall|k: nat| 1 <= k <= e ==> (d % #[trigger] pow(p, k) == 0 <==> k <= a),
    ensures
        dividing_powers(d, p, e) == (if e <= a { e } else { a }),
    decreases e,
{
    if e > 0 {
        lemma_dividing_powers_exact(d, p, (e - 1) as nat, a);
        assert(d % pow(p, e) == 0 <==> e <= a);
    }
}

proof fn lemma_prefix_as_power(
    factors: Seq<(u64, usize)>,
    other: Seq<(u64, usize)>,
    exps: Seq<nat>,
    m: int,
)
    requires
        forall|i: int| 0 <= i < m ==> #[trigger] other[i].0 == factors[i].0 && other[i].1 == exps[i],
    ensures
        prefix_product(other, m) == power_product(factors, exps, m),
    decreases m,
{
    if m > 0 {
        lemma_prefix_as_power(factors, other, exps, m - 1);
        assert(other[m - 1].0 == factors[m - 1].0 && other[m - 1].1 == exps[m - 1]);
    }
}

/// The prime powers that a divisor `d1` of `value` leaves multiply to
/// `value / d1`.
proof fn lemma_remaining_product(
    factors: Seq<(u64, usize)>,
    rest: Seq<(u64, usize)>,
    value: int,
    d1: int,
)
    requires
        prime_factors(factors),
        factor_product(factors) == value,
        value >= 1,
        is_divisor(d1, value),
        rest.len() == factors.len(),
        forall|i: int|
            0 <= i < rest.len() ==> #[trigger] rest[i].0 == factors[i].0 && rest[i].1 == factors[i].1
                - dividing_powers(d1, factors[i].0 as int, factors[i].1 as nat),
    ensures
        prefix_product(rest, rest.len() as int) == value / d1,
{
    let n = factors.len() as int;
    let exps1 = lemma_divisor_exponents(factors, n, d1);
    let whole = Seq::new(n as nat, |i: int| factors[i].1 as nat);
    let left = Seq::new(n as nat, |i: int| (factors[i].1 - exps1[i]) as nat);
    assert forall|i: int| 0 <= i < n implies #[trigger] rest[i].0 == factors[i].0 && rest[i].1 == left[i] by {
        let p = factors[i].0 as int;
        let e = factors[i].1 as nat;
        assert(exps1[i] <= factors[i].1);
        assert forall|k: nat| 1 <= k <= e implies (d1 % #[trigger] pow(p, k) == 0 <==> k <= exps1[i]) by {
            lemma_power_divides(factors, exps1, n, i, k);
        }
        lemma_dividing_powers_exact(d1, p, e, exps1[i]);
    }
    lemma_prefix_as_power(factors, rest, left, n);
    lemma_prefix_as_power(factors, factors, whole, n);
    assert forall|i: int| 0 <= i < n implies #[trigger] whole[i] == exps1[i] + left[i] by {
        assert(exps1[i] <= factors[i].1);
    }
    lemma_power_product_mul(factors, exps1, left, whole, n);
    let r = prefix_product(rest, n);
    assert(r == value / d1) by (nonlinear_arith)
        requires
            d1 * r == value,
            d1 >= 1,
    ;
}

/// The pairs `(p, e - j)` for the pairs `(p, e)` of `factors`, `j` the number
/// of powers `p^1 .. p^e` that divide `d1`: the prime powers that `d1` leaves
/// of the product of `factors`.
fn remaining_factors(factors: &Vec<(u64, usize)>, d1: u64) -> (r: Vec<(u64, usize)>)
    requires
        prime_factors(factors@),
        d1 >= 1,
    ensures
        r@.len() == factors@.len(),
        forall|i: int|
            0 <= i < r@.len() ==> #[trigger] r@[i].0 == factors@[i].0 && r@[i].1 == factors@[i].1
                - dividing_powers(d1 as int, factors@[i].0 as int, factors@[i].1 as nat),
        prime_factors(r@),
{
    let mut r: Vec<(u64, usize)> = Vec::new();
    let mut f: usize = 0;
    while f < factors.len()
        invariant
            prime_factors(factors@),
            d1 >= 1,
            f <= factors@.len(),
            r@.len() == f,
            forall|i: int|
                0 <= i < f ==> #[trigger] r@[i].0 == factors@[i].0 && r@[i].1 == factors@[i].1
                    - dividing_powers(d1 as int, factors@[i].0 as int, factors@[i].1 as nat),
        decreases factors@.len() - f,
    {
        let (p, e) = factors[f];
        assert(is_prime(p as int)) by {
            assert(is_prime(factors@[f as int].0 as int));
        }
        let mut dividing: usize = 0;
        let mut div: u64 = 1;
        let mut k: usize = 0;
        let mut in_range = true;
        proof {
            assert(pow(p as int, 0) == 1) by {
                reveal(pow);
            }
        }
        while k < e && in_range
            invariant
                p >= 2,
                d1 >= 1,
                k <= e,
                f < factors@.len(),
                p == factors@[f as int].0,
                e == factors@[f as int].1,
                r@.len() == f,
                forall|i: int|
                    0 <= i < f ==> #[trigger] r@[i].0 == factors@[i].0 && r@[i].1 == factors@[i].1
                        - dividing_powers(d1 as int, factors@[i].0 as int, factors@[i].1 as nat),
                in_range ==> div == pow(p as int, k as nat),
                in_range ==> dividing == dividing_powers(d1 as int, p as int, k as nat),
                !in_range ==> dividing == dividing_powers(d1 as int, p as int, e as nat),
                dividing <= k,
                div >= 1,
            decreases e - k + (if in_range { 1int } else { 0int }),
        {
            proof {
                assert(pow(p as int, (k + 1) as nat) == p * pow(p as int, k as nat)) by {
                    reveal(pow);
                }
            }
            match div.checked_mul(p) {
                Some(d) => {
                    assert(d >= 1) by (nonlinear_arith)
                        requires
                            d == div * p,
                            div >= 1,
                            p >= 2,
                    ;
                    div = d;
                    if d1 % div == 0 {
                        dividing = dividing + 1;
                    }
                    k = k + 1;
                },
                None => {
                    proof {
                        lemma_dividing_powers_stop(d1 as int, p as int, k as nat, e as nat);
                        lemma_dividing_powers_bound(d1 as int, p as int, k as nat);
                    }
                    in_range = false;
                },
            }
        }
        proof {
            lemma_dividing_powers_bound(d1 as int, p as int, e as nat);
        }
        assert(dividing == dividing_powers(d1 as int, p as int, e as nat));
        r.push((p, e - dividing));
        f = f + 1;
    }
    proof {
        assert forall|a: int, b: int| 0 <= a < b < r@.len() implies #[trigger] r@[a].0 < #[trigger] r@[b].0 by {
            assert(r@[a].0 == factors@[a].0 && r@[b].0 == factors@[b].0);
        }
        assert forall|k: int| 0 <= k < r@.len() implies is_prime(#[trigger] r@[k].0 as int) by {
            assert(r@[k].0 == factors@[k].0);
        }
    }
    r
}

/// For a largest factor `first_divider` of `value`, the middle factors `d2`
/// that complete it to a factorization `first_divider >= d2 >= d3` of
/// `value`, with `d3 = value / first_divider / d2`. `factors` is the prime
/// factorization of `value`.
pub fn find_second_dividers(value: u64, first_divider: u64, factors: &Vec<(u64, usize)>) -> (r: Vec<u64>)
    requires
        value >= 1,
        is_first_divider(value as int, first_divider as int),
        prime_factors(factors@),
    ensures
        forall|k: int|
            0 <= k < r@.len() ==> is_second_divider(value as int, first_divider as int, #[trigger] r@[k] as int),
        value / first_divider <= first_divider ==> r@.contains(value / first_divider),
        r@.no_duplicates(),
        factor_product(factors@) == value ==> forall|d: u64|
            #![trigger r@.contains(d)]
            is_second_divider(value as int, first_divider as int, d as int) ==> r@.contains(d),
{
    let d1 = first_divider;
    let q = value / d1;
    assert(q >= 1) by (nonlinear_arith)
        requires
            d1 >= 1,
            value % d1 == 0,
            value >= 1,
            q == value / d1,
    ;
    let mut minimum_divider: u64 = 1;
    if q > d1 {
        assert(q / d1 >= 1) by (nonlinear_arith)
            requires
                q > d1,
                d1 >= 1,
        ;
        minimum_divider = q / d1;
        if q % d1 != 0 {
            assert(q / d1 < q) by (nonlinear_arith)
                requires
                    q % d1 != 0,
                    d1 >= 1,
                    q >= 1,
            ;
            minimum_divider = minimum_divider + 1;
        }
    }
    if q > d1 {
        assert(minimum_divider * d1 >= q) by (nonlinear_arith)
            requires
                d1 >= 1,
                q % d1 == 0 ==> minimum_divider == q / d1,
                q % d1 != 0 ==> minimum_divider == q / d1 + 1,
        ;
    }
    let max_divider = square_root(q);
    assert(max_divider >= 1) by (nonlinear_arith)
        requires
            q >= 1,
            q < (max_divider + 1) * (max_divider + 1),
    ;
    let rest = remaining_factors(factors, d1);
    let small = divisor_products(&rest, max_divider);
    let mut out: Vec<u64> = Vec::new();
    let ghost mut src: Seq<int> = Seq::empty();
    let mut i: usize = 0;
    while i < small.len()
        invariant
            q == value / d1,
            q >= 1,
            d1 >= 1,
            minimum_divider >= 1,
            q <= d1 ==> minimum_divider == 1,
            q > d1 && q % d1 == 0 ==> minimum_divider == q / d1,
            q > d1 && q % d1 != 0 ==> minimum_divider == q / d1 + 1,
            minimum_divider * d1 >= q,
            max_divider * max_divider <= q < (max_divider + 1) * (max_divider + 1),
            forall|exps: Seq<nat>|
                exponents_within(rest@, exps, rest@.len() as int) && #[trigger] power_product(
                    rest@,
                    exps,
                    rest@.len() as int,
                ) <= max_divider ==> small@.contains(power_product(rest@, exps, rest@.len() as int) as u64),
            max_divider * max_divider <= q,
            i <= small@.len(),
            small@.len() >= 1,
            small@[0] == 1,
            small@.no_duplicates(),
            forall|k: int| 0 <= k < small@.len() ==> 1 <= #[trigger] small@[k] <= max_divider,
            out@.no_duplicates(),
            src.len() == out@.len(),
            forall|t: int|
                0 <= t < src.len() ==> 0 <= #[trigger] src[t] < i && out@[t] * small@[src[t]] == q,
            forall|t: int|
                0 <= t < out@.len() ==> is_second_divider(value as int, d1 as int, #[trigger] out@[t] as int),
            forall|k: int|
                0 <= k < i && #[trigger] small@[k] >= minimum_divider && q % small@[k] == 0 ==> out@.contains(
                    q / small@[k],
                ),
        decreases small@.len() - i,
    {
        let x = small[i];
        if i == 0 {
            assert(q % 1 == 0) by (nonlinear_arith);
        }
        if x >= minimum_divider && q % x == 0 {
            let d = q / x;
            assert(x * d == q && d * x == q && d * d >= q && d <= d1 && d >= 1 && q % d == 0) by (nonlinear_arith)
                requires
                    1 <= x <= max_divider,
                    max_divider * max_divider <= q,
                    x >= minimum_divider,
                    minimum_divider * d1 >= q,
                    q % x == 0,
                    d == q / x,
                    d1 >= 1,
            ;
            proof {
                assert forall|t: int| 0 <= t < out@.len() implies #[trigger] out@[t] != d by {
                    let c = small@[src[t]];
                    if out@[t] == d {
                        assert(c == x) by (nonlinear_arith)
                            requires
                                d * c == q,
                                x * d == q,
                                d >= 1,
                        ;
                        assert(src[t] != i);
                    }
                }
            }
            let ghost before = out@;
            out.push(d);
            proof {
                src = src.push(i as int);
                lemma_push_keeps(before, d);
            }
        }
        i = i + 1;
    }
    proof {
        if q <= d1 {
            assert(q / 1 == q) by (nonlinear_arith);
            assert(small@[0] >= minimum_divider && q % small@[0] == 0);
        }
        if factor_product(factors@) == value {
            lemma_remaining_product(factors@, rest@, value as int, d1 as int);
            assert forall|d: u64|
                #![trigger out@.contains(d)]
                is_second_divider(value as int, d1 as int, d as int) implies out@.contains(d) by {
                let x = q / d;
                assert(x * d == q && x >= 1 && x <= d && q % x == 0 && q / x == d) by (nonlinear_arith)
                    requires
                        d >= 1,
                        q % d == 0,
                        d * d >= q,
                        x == q / d,
                        q >= 1,
                ;
                assert(x <= max_divider) by (nonlinear_arith)
                    requires
                        x * d == q,
                        x <= d,
                        x >= 1,
                        q < (max_divider + 1) * (max_divider + 1),
                        max_divider >= 0,
                ;
                assert(x >= minimum_divider) by (nonlinear_arith)
                    requires
                        x * d == q,
                        d <= d1,
                        d1 >= 1,
                        x >= 1,
                        q <= d1 ==> minimum_divider == 1,
                        q > d1 && q % d1 == 0 ==> minimum_divider == q / d1,
                        q > d1 && q % d1 != 0 ==> minimum_divider == q / d1 + 1,
                ;
                assert(prefix_product(rest@, rest@.len() as int) % (x as int) == 0);
                let exps = lemma_divisor_exponents(rest@, rest@.len() as int, x as int);
                assert(small@.contains(x));
                let k = choose|k: int| 0 <= k < small@.len() && small@[k] == x;
                assert(small@[k] >= minimum_divider && q % small@[k] == 0);
            }
        }
    }
    out
}

/// Number of middle factors `d2` below `hi` for the largest factor `d1`.
pub open spec fn middle_count(value: int, d1: int, hi: int) -> nat
    decreases hi,
{
    if hi <= 1 {
        0
    } else {
        middle_count(value, d1, hi - 1) + if is_second_divider(value, d1, hi - 1) {
            1nat
        } else {
            0nat
        }
    }
}

/// Number of factorizations `value == d1 * d2 * d3` with `d1 >= d2 >= d3 >= 1`
/// and `d1 < hi`. Such a factorization is fixed by its largest factor `d1`, a
/// divisor with `d1^3 >= value`, and its middle factor `d2`.
pub open spec fn triples_below(value: int, hi: int) -> nat
    decreases hi,
{
    if hi <= 1 {
        0
    } else {
        triples_below(value, hi - 1) + if is_first_divider(value, hi - 1) {
            middle_count(value, hi - 1, hi)
        } else {
            0
        }
    }
}

/// Number of unordered factorizations of `value` into three positive factors.
pub open spec fn factor_triples(value: int) -> nat {
    triples_below(value, value + 1)
}

/// Sum of `g(x)` over `x` in `0..hi` with `keep(x)`.
pub open spec fn range_sum(keep: spec_fn(int) -> bool, g: spec_fn(int) -> nat, hi: int) -> nat
    decreases hi,
{
    if hi <= 0 {
        0
    } else {
        range_sum(keep, g, hi - 1) + if keep(hi - 1) {
            g(hi - 1)
        } else {
            0
        }
    }
}

/// Sum of `g` over the entries of a list.
pub open spec fn list_sum(s: Seq<u64>, g: spec_fn(int) -> nat) -> nat
    decreases s.len(),
{
    if s.len() == 0 {
        0
    } else {
        list_sum(s.drop_last(), g) + g(s.last() as int)
    }
}

proof fn lemma_list_sum_remove(s: Seq<u64>, g: spec_fn(int) -> nat, j: int)
    requires
        0 <= j < s.len(),
    ensures
        list_sum(s, g) == list_sum(s.remove(j), g) + g(s[j] as int),
    decreases s.len(),
{
    if j < s.len() - 1 {
        lemma_list_sum_remove(s.drop_last(), g, j);
        assert(s.remove(j).drop_last() =~= s.drop_last().remove(j));
        assert(s.remove(j).last() == s.last());
    } else {
        assert(s.remove(j) =~= s.drop_last());
    }
}

/// A list without repeats holding exactly the `x` in `0..hi` with `keep(x)`
/// sums `g` as the range does.
pub proof fn lemma_list_sum_range(s: Seq<u64>, keep: spec_fn(int) -> bool, g: spec_fn(int) -> nat, hi: int)
    requires
        s.no_duplicates(),
        0 <= hi <= u64::MAX + 1,
        forall|k: int| 0 <= k < s.len() ==> 0 <= #[trigger] s[k] < hi && keep(s[k] as int),
        forall|x: int| 0 <= x < hi && #[trigger] keep(x) ==> s.contains(x as u64),
    ensures
        list_sum(s, g) == range_sum(keep, g, hi),
    decreases hi,
{
    if hi == 0 {
        assert(s.len() == 0) by {
            if s.len() > 0 {
                assert(0 <= s[0] < hi);
            }
        }
    } else {
        let y = hi - 1;
        if keep(y) {
            assert(s.contains(y as u64));
            let j = choose|j: int| 0 <= j < s.len() && s[j] == y as u64;
            let r = s.remove(j);
            assert forall|a: int, b: int| 0 <= a < b < r.len() implies r[a] != r[b] by {
                let ia = if a < j { a } else { a + 1 };
                let ib = if b < j { b } else { b + 1 };
                assert(r[a] == s[ia] && r[b] == s[ib]);
            }
            assert forall|k: int| 0 <= k < r.len() implies 0 <= #[trigger] r[k] < y && keep(r[k] as int) by {
                let ik = if k < j { k } else { k + 1 };
                assert(r[k] == s[ik]);
                assert(ik != j);
            }
            assert forall|x: int| 0 <= x < y && #[trigger] keep(x) implies r.contains(x as u64) by {
                assert(s.contains(x as u64));
                let i = choose|i: int| 0 <= i < s.len() && s[i] == x as u64;
                assert(i != j);
                let ir = if i < j { i } else { i - 1 };
                assert(r[ir] == s[i]);
            }
            lemma_list_sum_range(r, keep, g, y);
            lemma_list_sum_remove(s, g, j);
        } else {
            assert forall|k: int| 0 <= k < s.len() implies 0 <= #[trigger] s[k] < y && keep(s[k] as int) by {
                assert(s[k] as int != y);
            }
            lemma_list_sum_range(s, keep, g, y);
        }
    }
}

/// The number of unordered factorizations of a positive `value` into three
/// positive factors, as the divisor engine lists them; a count beyond
/// `usize::MAX` is reported as `usize::MAX`.
pub fn count_triplets(value: u64) -> (r: usize)
    requires
        value >= 1,
    ensures
        r == (if factor_triples(value as int) > usize::MAX {
            usize::MAX as int
        } else {
            factor_triples(value as int) as int
        }),
{
    let factors = factorize(value);
    let first_dividers = find_first_dividers(value, &factors);
    let ghost g = |d1: int| middle_count(value as int, d1, d1 + 1);
    let ghost keep = |d1: int| is_first_divider(value as int, d1);
    let mut count: usize = 0;
    let mut i: usize = 0;
    while i < first_dividers.len()
        invariant
            value >= 1,
            prime_factors(factors@),
            factor_product(factors@) == value,
            forall|k: int|
                0 <= k < first_dividers@.len() ==> is_first_divider(value as int, #[trigger] first_dividers@[k] as int),
            i <= first_dividers@.len(),
            g == (|d1: int| middle_count(value as int, d1, d1 + 1)),
            count == (if list_sum(first_dividers@.take(i as int), g) > usize::MAX {
                usize::MAX as int
            } else {
                list_sum(first_dividers@.take(i as int), g) as int
            }),
        decreases first_dividers@.len() - i,
    {
        let d1 = first_dividers[i];
        let seconds = find_second_dividers(value, d1, &factors);
        proof {
            let keep2 = |d2: int| is_second_divider(value as int, d1 as int, d2);
            let one = |d2: int| 1nat;
            assert forall|k: int| 0 <= k < seconds@.len() implies 0 <= #[trigger] seconds@[k] < d1 + 1 && keep2(
                seconds@[k] as int,
            ) by {
                assert(is_second_divider(value as int, d1 as int, seconds@[k] as int));
            }
            assert forall|x: int| 0 <= x < d1 + 1 && #[trigger] keep2(x) implies seconds@.contains(x as u64) by {
                assert(is_second_divider(value as int, d1 as int, (x as u64) as int));
            }
            lemma_list_sum_range(seconds@, keep2, one, d1 + 1);
            lemma_count_as_sum(seconds@, one);
            lemma_middle_as_range(value as int, d1 as int, d1 + 1);
            assert(first_dividers@.take(i as int + 1).drop_last() =~= first_dividers@.take(i as int));
        }
        count = count.saturating_add(seconds.len());
        i = i + 1;
    }
    proof {
        assert(first_dividers@.take(i as int) =~= first_dividers@);
        assert forall|k: int| 0 <= k < first_dividers@.len() implies 0 <= #[trigger] first_dividers@[k]
            < value + 1 && keep(first_dividers@[k] as int) by {
            let d = first_dividers@[k] as int;
            let v = value as int;
            assert(is_first_divider(v, d));
            assert(d <= v) by (nonlinear_arith)
                requires
                    d >= 1,
                    v % d == 0,
                    v >= 1,
            ;
        }
        assert forall|x: int| 0 <= x < value + 1 && #[trigger] keep(x) implies first_dividers@.contains(x as u64) by {
            assert(is_first_divider(value as int, (x as u64) as int));
        }
        lemma_list_sum_range(first_dividers@, keep, g, value + 1);
        lemma_triples_as_range(value as int, value + 1);
    }
    count
}

proof fn lemma_count_as_sum(s: Seq<u64>, one: spec_fn(int) -> nat)
    requires
        forall|x: int| #[trigger] one(x) == 1,
    ensures
        list_sum(s, one) == s.len(),
    decreases s.len(),
{
    if s.len() > 0 {
        lemma_count_as_sum(s.drop_last(), one);
    }
}

proof fn lemma_middle_as_range(value: int, d1: int, hi: int)
    ensures
        middle_count(value, d1, hi) == range_sum(
            |d2: int| is_second_divider(value, d1, d2),
            |d2: int| 1nat,
            hi,
        ),
    decreases hi,
{
    if hi > 1 {
        lemma_middle_as_range(value, d1, hi - 1);
    } else if hi == 1 {
        assert(!is_second_divider(value, d1, 0));
        reveal_with_fuel(range_sum, 2);
    }
}

proof fn lemma_triples_as_range(value: int, hi: int)
    ensures
        triples_below(value, hi) == range_sum(
            |d1: int| is_first_divider(value, d1),
            |d1: int| middle_count(value, d1, d1 + 1),
            hi,
        ),
    decreases hi,
{
    if hi > 1 {
        lemma_triples_as_range(value, hi - 1);
    } else if hi == 1 {
        assert(!is_first_divider(value, 0));
        reveal_with_fuel(range_sum, 2);
    }
}

} // verus!
